//! The pipeline as a state machine, for every schedule at once.
//!
//! A state holds the channels, the workers and the sink of a pipeline of `W`
//! lanes and `D` levels; a step lets one stage do one thing. The steps are
//! the steps of the run-time stages: what a worker does is what
//! [`crate::worker`] names, what the sink does is what [`crate::sink`]
//! does. Whatever the order of the steps, a state that is reached from the
//! start is consistent, and when the sink of a consistent state has seen every
//! producer close, it holds every fragment exactly once.

use crate::channel::{closed_state, refusal, ChannelState};
use crate::distributor::{
    index_at, lane_len, lane_of, lanes_of, lemma_flatten_grows, lemma_lanes_reassemble,
    lemma_fragment_has_one_lane, lemma_next_fragment_joins_one_lane, lemma_next_place,
    lemma_round_robin_is_fair,
};
use crate::fragment::{stamped, Fragment};
use crate::reassembler::is_reassembly;
use crate::stage::{index_after_close, index_after_receive, DrainPolicy, Producer};
use crate::transform::{lemma_failure_stays, lemma_through_unfolds, outcome, through, transformed};
use crate::worker::{after_close, after_process, after_receive, after_send, Phase, WorkerView};
use vstd::prelude::*;
use vstd::seq_lib::to_multiset_build;

verus! {

/// One lane: channel `j` feeds the worker at level `j`, the last channel
/// feeds the sink. `taken` counts what the sink has taken from the lane.
pub struct LaneModel<T> {
    pub channels: Seq<ChannelState<T>>,
    pub workers: Seq<WorkerView<T>>,
    pub taken: nat,
}

/// A pipeline between two steps.
pub struct PipelineModel<T> {
    pub inputs: Seq<T>,
    pub depth: nat,
    /// The number of fragments that the source has sent.
    pub emitted: nat,
    /// Whether the source has closed its outputs.
    pub source_closed: bool,
    pub lanes: Seq<LaneModel<T>>,
    /// The producers that the sink has not yet found closed.
    pub live: Seq<Producer>,
    pub position: nat,
    pub policy: DrainPolicy,
    /// What the sink has collected, in the order of arrival.
    pub collected: Seq<Fragment<T>>,
}

/// What one stage does in one step.
#[derive(Clone, Copy, Debug, PartialEq, Eq, Structural)]
pub enum Step {
    /// The source offers the next fragment to its lane.
    Emit,
    /// The source, out of input, closes its outputs.
    CloseSource,
    /// The worker at level `level` of lane `lane` does its next step.
    Work { lane: usize, level: usize },
    /// The sink asks the producer whose turn it is.
    Poll,
}

/// The pipeline after the source has offered its next fragment: the
/// fragment is stamped with the number of fragments sent before and goes to
/// lane `emitted mod W`, if the channel takes it.
pub open spec fn after_emit<T>(s: PipelineModel<T>) -> PipelineModel<T> {
    let lane = (s.emitted % s.lanes.len()) as int;
    let channel = s.lanes[lane].channels[0];
    if s.emitted < s.inputs.len() && !s.source_closed && refusal(channel) is None {
        let fragment = Fragment { sequence: s.emitted as u64, payload: s.inputs[s.emitted as int] };
        PipelineModel {
            emitted: s.emitted + 1,
            lanes: s.lanes.update(
                lane,
                LaneModel {
                    channels: s.lanes[lane].channels.update(
                        0,
                        ChannelState { queued: channel.queued.push(fragment), ..channel },
                    ),
                    ..s.lanes[lane]
                },
            ),
            ..s
        }
    } else {
        s
    }
}

/// The pipeline after the source has closed its outputs, which it does once
/// it has sent everything.
pub open spec fn after_close_source<T>(s: PipelineModel<T>) -> PipelineModel<T> {
    if s.emitted == s.inputs.len() && !s.source_closed {
        PipelineModel {
            source_closed: true,
            lanes: Seq::new(
                s.lanes.len(),
                |k: int|
                    LaneModel {
                        channels: s.lanes[k].channels.update(0, closed_state(s.lanes[k].channels[0])),
                        ..s.lanes[k]
                    },
            ),
            ..s
        }
    } else {
        s
    }
}

/// The lane after its worker at level `level` has done its next step.
pub open spec fn lane_after_work<T, F: Fn(usize, T) -> Option<T>>(
    lane: LaneModel<T>,
    f: F,
    level: int,
) -> LaneModel<T> {
    let worker = lane.workers[level];
    let input = lane.channels[level];
    let output = lane.channels[level + 1];
    match worker.phase {
        Phase::Waiting => LaneModel {
            workers: lane.workers.update(level, after_receive(worker, input).0),
            channels: lane.channels.update(level, after_receive(worker, input).1),
            ..lane
        },
        Phase::Processing(_) => LaneModel {
            workers: lane.workers.update(level, after_process(worker, f).0),
            ..lane
        },
        Phase::Emitting(_) => LaneModel {
            workers: lane.workers.update(level, after_send(worker, output).0),
            channels: lane.channels.update(level + 1, after_send(worker, output).1),
            ..lane
        },
        Phase::Closing => LaneModel {
            workers: lane.workers.update(level, after_close(worker, output).0),
            channels: lane.channels.update(level + 1, after_close(worker, output).1),
            ..lane
        },
        Phase::Terminated => lane,
    }
}

/// The pipeline after one step of a worker.
pub open spec fn after_work<T, F: Fn(usize, T) -> Option<T>>(
    s: PipelineModel<T>,
    f: F,
    lane: nat,
    level: nat,
) -> PipelineModel<T> {
    if lane < s.lanes.len() && level < s.depth {
        PipelineModel {
            lanes: s.lanes.update(lane as int, lane_after_work(s.lanes[lane as int], f, level as int)),
            ..s
        }
    } else {
        s
    }
}

/// The pipeline after one turn of the sink.
pub open spec fn after_poll<T>(s: PipelineModel<T>) -> PipelineModel<T> {
    if s.live.len() == 0 {
        s
    } else {
        let slot = s.live[s.position as int].slot as int;
        let lane = s.lanes[slot];
        let channel = lane.channels[s.depth as int];
        if channel.queued.len() > 0 {
            PipelineModel {
                collected: s.collected.push(channel.queued[0]),
                position: index_after_receive(s.policy, s.position, s.live.len()),
                lanes: s.lanes.update(
                    slot,
                    LaneModel {
                        channels: lane.channels.update(
                            s.depth as int,
                            ChannelState { queued: channel.queued.drop_first(), ..channel },
                        ),
                        taken: lane.taken + 1,
                        ..lane
                    },
                ),
                ..s
            }
        } else if channel.closed {
            PipelineModel {
                live: s.live.remove(s.position as int),
                position: index_after_close(s.position, s.live.len()),
                ..s
            }
        } else {
            s
        }
    }
}

/// The pipeline after `step`.
pub open spec fn after_step<T, F: Fn(usize, T) -> Option<T>>(
    s: PipelineModel<T>,
    f: F,
    step: Step,
) -> PipelineModel<T> {
    match step {
        Step::Emit => after_emit(s),
        Step::CloseSource => after_close_source(s),
        Step::Work { lane, level } => after_work(s, f, lane as nat, level as nat),
        Step::Poll => after_poll(s),
    }
}

/// The pipeline after the steps of `schedule`, one after the other.
pub open spec fn after_schedule<T, F: Fn(usize, T) -> Option<T>>(
    s: PipelineModel<T>,
    f: F,
    schedule: Seq<Step>,
) -> PipelineModel<T>
    decreases schedule.len(),
{
    if schedule.len() == 0 {
        s
    } else {
        after_step(after_schedule(s, f, schedule.drop_last()), f, schedule.last())
    }
}

/// Whether the step is a worker's transform that fails on its fragment.
pub open spec fn step_fails<T, F: Fn(usize, T) -> Option<T>>(
    s: PipelineModel<T>,
    f: F,
    step: Step,
) -> bool {
    match step {
        Step::Work { lane, level } => lane < s.lanes.len() && level < s.depth && (
        match s.lanes[lane as int].workers[level as int].phase {
            Phase::Processing(fragment) => outcome(
                f,
                s.lanes[lane as int].workers[level as int].level,
                fragment.payload,
            ) is None,
            _ => false,
        }),
        _ => false,
    }
}

/// Whether one of the steps of the schedule is a transform that fails.
pub open spec fn schedule_fails<T, F: Fn(usize, T) -> Option<T>>(
    s: PipelineModel<T>,
    f: F,
    schedule: Seq<Step>,
) -> bool
    decreases schedule.len(),
{
    schedule.len() > 0 && (schedule_fails(s, f, schedule.drop_last()) || step_fails(
        after_schedule(s, f, schedule.drop_last()),
        f,
        schedule.last(),
    ))
}

/// A lane at rest: empty open channels of capacity `capacity`, waiting workers.
pub open spec fn lane_at_start<T>(depth: nat, capacity: nat) -> LaneModel<T> {
    LaneModel {
        channels: Seq::new(
            depth + 1,
            |j: int|
                ChannelState { queued: Seq::empty(), capacity, closed: false, broken: false },
        ),
        workers: Seq::new(
            depth,
            |j: int| WorkerView { level: j as usize, phase: Phase::Waiting, handled: 0 },
        ),
        taken: 0,
    }
}

/// The pipeline before its first step.
pub open spec fn at_start<T>(
    inputs: Seq<T>,
    producers: Seq<Producer>,
    depth: nat,
    capacity: nat,
    policy: DrainPolicy,
) -> PipelineModel<T> {
    PipelineModel {
        inputs,
        depth,
        emitted: 0,
        source_closed: false,
        lanes: Seq::new(producers.len(), |k: int| lane_at_start(depth, capacity)),
        live: producers,
        position: 0,
        policy,
        collected: Seq::empty(),
    }
}

/// The transform fails on no input, at no level.
pub open spec fn never_fails<T, F: Fn(usize, T) -> Option<T>>(f: F, depth: nat, inputs: Seq<T>) -> bool {
    forall|i: int| 0 <= i < inputs.len() ==> through(f, depth, #[trigger] inputs[i]) is Some
}

/// Whether a worker holds a fragment.
pub open spec fn holds<T>(worker: WorkerView<T>) -> int {
    if worker.phase is Processing || worker.phase is Emitting {
        1
    } else {
        0
    }
}

/// The number of fragments that channel `level` of lane `lane` has taken so far.
pub open spec fn entered<T>(s: PipelineModel<T>, lane: int, level: int) -> int {
    if level == 0 {
        lane_len(s.emitted, s.lanes.len(), lane as nat) as int
    } else {
        s.lanes[lane].workers[level - 1].handled - holds(s.lanes[lane].workers[level - 1])
    }
}

/// The number of fragments that have left channel `level` of lane `lane` so far.
pub open spec fn left<T>(s: PipelineModel<T>, lane: int, level: int) -> int {
    if level < s.depth {
        s.lanes[lane].workers[level].handled as int
    } else {
        s.lanes[lane].taken as int
    }
}

/// Whether the stage that feeds channel `level` of lane `lane` has closed it.
pub open spec fn upstream_done<T>(s: PipelineModel<T>, lane: int, level: int) -> bool {
    if level == 0 {
        s.source_closed
    } else {
        s.lanes[lane].workers[level - 1].phase is Terminated
    }
}

/// The fragment at place `place` of lane `lane`, as it is after `level` levels.
pub open spec fn fragment_at<T, F: Fn(usize, T) -> Option<T>>(
    inputs: Seq<T>,
    f: F,
    workers: nat,
    lane: int,
    place: int,
    level: int,
) -> Fragment<T> {
    let index = index_at(workers, lane as nat, place as nat) as int;
    Fragment { sequence: index as u64, payload: through(f, level as nat, inputs[index])->Some_0 }
}

/// The fragment at place `place` of lane `lane` is one of the inputs, and no
/// transform has failed on it before level `level`.
pub open spec fn reached<T, F: Fn(usize, T) -> Option<T>>(
    inputs: Seq<T>,
    f: F,
    workers: nat,
    lane: int,
    place: int,
    level: int,
) -> bool {
    let index = index_at(workers, lane as nat, place as nat) as int;
    index < inputs.len() && through(f, level as nat, inputs[index]) is Some
}

/// The queue holds, in their order, the fragments of lane `lane` from place
/// `first` on, each as it is after `level` levels, and each has reached
/// that level.
#[verifier::opaque]
pub open spec fn queue_holds<T, F: Fn(usize, T) -> Option<T>>(
    inputs: Seq<T>,
    f: F,
    workers: nat,
    lane: int,
    level: int,
    queued: Seq<Fragment<T>>,
    first: int,
) -> bool {
    forall|p: int|
        0 <= p < queued.len() ==> #[trigger] queued[p] == fragment_at(
            inputs,
            f,
            workers,
            lane,
            first + p,
            level,
        ) && reached(inputs, f, workers, lane, first + p, level)
}

proof fn lemma_empty_queue_holds<T, F: Fn(usize, T) -> Option<T>>(
    inputs: Seq<T>,
    f: F,
    workers: nat,
    lane: int,
    level: int,
    queued: Seq<Fragment<T>>,
    first: int,
)
    requires
        queued.len() == 0,
    ensures
        queue_holds(inputs, f, workers, lane, level, queued, first),
{
    reveal(queue_holds);
}

proof fn lemma_front_of_queue<T, F: Fn(usize, T) -> Option<T>>(
    inputs: Seq<T>,
    f: F,
    workers: nat,
    lane: int,
    level: int,
    queued: Seq<Fragment<T>>,
    first: int,
)
    requires
        queue_holds(inputs, f, workers, lane, level, queued, first),
        queued.len() > 0,
    ensures
        queued[0] == fragment_at(inputs, f, workers, lane, first, level),
        reached(inputs, f, workers, lane, first, level),
        queue_holds(inputs, f, workers, lane, level, queued.drop_first(), first + 1),
{
    reveal(queue_holds);
    let rest = queued.drop_first();
    assert(queued[0] == fragment_at(inputs, f, workers, lane, first + 0, level));
    assert(reached(inputs, f, workers, lane, first + 0, level));
    assert forall|p: int| 0 <= p < rest.len() implies #[trigger] rest[p] == fragment_at(
        inputs,
        f,
        workers,
        lane,
        first + 1 + p,
        level,
    ) && reached(inputs, f, workers, lane, first + 1 + p, level) by {
        assert(rest[p] == queued[p + 1]);
    }
}

proof fn lemma_back_of_queue<T, F: Fn(usize, T) -> Option<T>>(
    inputs: Seq<T>,
    f: F,
    workers: nat,
    lane: int,
    level: int,
    queued: Seq<Fragment<T>>,
    first: int,
    fragment: Fragment<T>,
)
    requires
        queue_holds(inputs, f, workers, lane, level, queued, first),
        fragment == fragment_at(inputs, f, workers, lane, first + queued.len(), level),
        reached(inputs, f, workers, lane, first + queued.len(), level),
    ensures
        queue_holds(inputs, f, workers, lane, level, queued.push(fragment), first),
{
    reveal(queue_holds);
    let longer = queued.push(fragment);
    assert forall|p: int| 0 <= p < longer.len() implies #[trigger] longer[p] == fragment_at(
        inputs,
        f,
        workers,
        lane,
        first + p,
        level,
    ) && reached(inputs, f, workers, lane, first + p, level) by {
        if p < queued.len() {
            assert(longer[p] == queued[p]);
        }
    }
}

/// Channel `level` of lane `lane` holds, in their order, the fragments of the
/// lane that have entered it and not left it, each as it is after `level`
/// levels; it is closed exactly if the stage that feeds it is done.
pub open spec fn channel_consistent<T, F: Fn(usize, T) -> Option<T>>(
    s: PipelineModel<T>,
    f: F,
    lane: int,
    level: int,
) -> bool {
    let channel = s.lanes[lane].channels[level];
    &&& !channel.broken
    &&& channel.capacity > 0
    &&& channel.closed == upstream_done(s, lane, level)
    &&& left(s, lane, level) + channel.queued.len() == entered(s, lane, level)
    &&& queue_holds(
        s.inputs,
        f,
        s.lanes.len(),
        lane,
        level,
        channel.queued,
        left(s, lane, level),
    )
}

/// The worker at level `level` of lane `lane` holds the fragment it has
/// received last, and is on its way out only if its input is closed and empty.
pub open spec fn worker_consistent<T, F: Fn(usize, T) -> Option<T>>(
    s: PipelineModel<T>,
    f: F,
    lane: int,
    level: int,
) -> bool {
    let worker = s.lanes[lane].workers[level];
    let input = s.lanes[lane].channels[level];
    &&& worker.level == level
    &&& match worker.phase {
        Phase::Waiting => true,
        Phase::Processing(fragment) => worker.handled >= 1 && fragment == fragment_at(
            s.inputs,
            f,
            s.lanes.len(),
            lane,
            worker.handled - 1,
            level,
        ) && reached(s.inputs, f, s.lanes.len(), lane, worker.handled - 1, level),
        Phase::Emitting(fragment) => worker.handled >= 1 && fragment == fragment_at(
            s.inputs,
            f,
            s.lanes.len(),
            lane,
            worker.handled - 1,
            level + 1,
        ) && reached(s.inputs, f, s.lanes.len(), lane, worker.handled - 1, level + 1),
        _ => input.closed && input.queued.len() == 0,
    }
}

/// Lane `lane` is consistent at every level.
pub open spec fn lane_consistent<T, F: Fn(usize, T) -> Option<T>>(
    s: PipelineModel<T>,
    f: F,
    lane: int,
) -> bool {
    &&& s.lanes[lane].channels.len() == s.depth + 1
    &&& s.lanes[lane].workers.len() == s.depth
    &&& forall|level: int|
        0 <= level <= s.depth ==> #[trigger] channel_consistent(s, f, lane, level)
    &&& forall|level: int| 0 <= level < s.depth ==> #[trigger] worker_consistent(s, f, lane, level)
}

/// Whether the sink still has the producer of lane `lane` to drain.
pub open spec fn is_live(live: Seq<Producer>, lane: int) -> bool {
    exists|a: int| 0 <= a < live.len() && (#[trigger] live[a]).slot == lane
}

/// What the sink has taken from each lane, lane by lane.
pub open spec fn taken_runs<T, F: Fn(usize, T) -> Option<T>>(s: PipelineModel<T>, f: F) -> Seq<
    Seq<Fragment<T>>,
> {
    Seq::new(
        s.lanes.len(),
        |k: int|
            Seq::new(
                s.lanes[k].taken,
                |p: int| fragment_at(s.inputs, f, s.lanes.len(), k, p, s.depth as int),
            ),
    )
}

/// The sink has a valid turn, its live producers are in lane order, a lane
/// that it has given up is closed and empty, and it holds what it has taken.
pub open spec fn sink_consistent<T, F: Fn(usize, T) -> Option<T>>(s: PipelineModel<T>, f: F) -> bool {
    &&& s.live.len() == 0 ==> s.position == 0
    &&& s.live.len() > 0 ==> s.position < s.live.len()
    &&& forall|a: int| 0 <= a < s.live.len() ==> (#[trigger] s.live[a]).slot < s.lanes.len()
    &&& forall|a: int, b: int|
        0 <= a < b < s.live.len() ==> (#[trigger] s.live[a]).slot < (#[trigger] s.live[b]).slot
    &&& forall|k: int|
        0 <= k < s.lanes.len() && !is_live(s.live, k) ==> (#[trigger] s.lanes[k]).channels[s.depth as int].closed
            && s.lanes[k].channels[s.depth as int].queued.len() == 0
    &&& s.collected.to_multiset() == taken_runs(s, f).flatten().to_multiset()
    &&& forall|k: int, p: int|
        0 <= k < s.lanes.len() && 0 <= p < s.lanes[k].taken ==> #[trigger] reached(
            s.inputs,
            f,
            s.lanes.len(),
            k,
            p,
            s.depth as int,
        )
}

/// The state is one that a run can be in.
pub open spec fn consistent<T, F: Fn(usize, T) -> Option<T>>(s: PipelineModel<T>, f: F) -> bool {
    &&& 0 < s.lanes.len() <= usize::MAX
    &&& s.depth <= usize::MAX
    &&& s.inputs.len() <= usize::MAX
    &&& s.emitted <= s.inputs.len()
    &&& s.source_closed ==> s.emitted == s.inputs.len()
    &&& forall|k: int| 0 <= k < s.lanes.len() ==> #[trigger] lane_consistent(s, f, k)
    &&& sink_consistent(s, f)
}

/// Runs that are all empty hold nothing together.
proof fn lemma_nothing_taken<T>(runs: Seq<Seq<Fragment<T>>>)
    requires
        forall|k: int| 0 <= k < runs.len() ==> (#[trigger] runs[k]).len() == 0,
    ensures
        runs.flatten() == Seq::<Fragment<T>>::empty(),
    decreases runs.len(),
{
    if runs.len() > 0 {
        let front = runs.drop_last();
        assert(runs =~= front.push(runs.last()));
        front.lemma_flatten_push(runs.last());
        lemma_nothing_taken(front);
        assert(runs.flatten() =~= Seq::<Fragment<T>>::empty());
    }
}

/// The start is consistent.
pub proof fn lemma_start_is_consistent<T, F: Fn(usize, T) -> Option<T>>(
    inputs: Seq<T>,
    ids: Seq<crate::stage_id::StageId>,
    depth: nat,
    capacity: nat,
    policy: DrainPolicy,
    f: F,
)
    requires
        0 < ids.len() <= usize::MAX,
        depth <= usize::MAX,
        capacity > 0,
        inputs.len() <= usize::MAX,
    ensures
        consistent(
            at_start(inputs, crate::stage::all_producers(ids), depth, capacity, policy),
            f,
        ),
{
    let s = at_start(inputs, crate::stage::all_producers(ids), depth, capacity, policy);
    assert forall|k: int| 0 <= k < s.lanes.len() implies #[trigger] lane_consistent(s, f, k) by {
        lemma_next_fragment_joins_one_lane(0, s.lanes.len(), k as nat);
        assert forall|level: int| 0 <= level <= s.depth implies #[trigger] channel_consistent(
            s,
            f,
            k,
            level,
        ) by {
            lemma_empty_queue_holds(
                s.inputs,
                f,
                s.lanes.len(),
                k,
                level,
                s.lanes[k].channels[level].queued,
                left(s, k, level),
            );
        }
        assert forall|level: int| 0 <= level < s.depth implies #[trigger] worker_consistent(
            s,
            f,
            k,
            level,
        ) by {}
    }
    assert forall|k: int| 0 <= k < s.lanes.len() implies is_live(s.live, k) by {
        assert(s.live[k].slot == k);
    }
    lemma_nothing_taken(taken_runs(s, f));
}

/// Where the transform never fails, every payload has a value after every level.
proof fn lemma_reaches_every_level<T, F: Fn(usize, T) -> Option<T>>(
    f: F,
    depth: nat,
    inputs: Seq<T>,
    i: int,
    level: nat,
)
    requires
        never_fails(f, depth, inputs),
        0 <= i < inputs.len(),
        level <= depth,
    ensures
        through(f, level, inputs[i]) is Some,
{
    if through(f, level, inputs[i]) is None {
        lemma_failure_stays(f, level, depth, inputs[i]);
    }
}

/// What the sink has taken is not touched by a step that leaves the sink alone.
proof fn lemma_sink_is_kept<T, F: Fn(usize, T) -> Option<T>>(
    s: PipelineModel<T>,
    t: PipelineModel<T>,
    f: F,
)
    requires
        consistent(s, f),
        t.inputs == s.inputs,
        t.depth == s.depth,
        t.lanes.len() == s.lanes.len(),
        t.live == s.live,
        t.position == s.position,
        t.collected == s.collected,
        forall|k: int| 0 <= k < s.lanes.len() ==> (#[trigger] t.lanes[k]).taken == s.lanes[k].taken,
        forall|k: int|
            0 <= k < s.lanes.len() && !is_live(s.live, k) ==> (#[trigger] t.lanes[k]).channels[s.depth as int].closed
                && t.lanes[k].channels[s.depth as int].queued.len() == 0,
    ensures
        sink_consistent(t, f),
{
    assert(taken_runs(t, f) =~~= taken_runs(s, f));
    assert forall|k: int, p: int| 0 <= k < t.lanes.len() && 0 <= p < t.lanes[k].taken implies #[trigger] reached(
        t.inputs,
        f,
        t.lanes.len(),
        k,
        p,
        t.depth as int,
    ) by {
        assert(reached(s.inputs, f, s.lanes.len(), k, p, s.depth as int));
    }
}

/// After a step of the source, every channel is consistent.
#[verifier::spinoff_prover]
proof fn lemma_emit_keeps_channel<T, F: Fn(usize, T) -> Option<T>>(
    s: PipelineModel<T>,
    f: F,
    k: int,
    lvl: int,
)
    requires
        consistent(s, f),
        0 <= k < s.lanes.len(),
        0 <= lvl <= s.depth,
    ensures
        channel_consistent(after_emit(s), f, k, lvl),
{
    let t = after_emit(s);
    let w = s.lanes.len();
    let to = (s.emitted % w) as int;
    lemma_next_fragment_joins_one_lane(s.emitted, w, k as nat);
    lemma_next_place(s.emitted, w);
    assert(lane_consistent(s, f, k));
    assert(lane_consistent(s, f, to));
    assert(channel_consistent(s, f, k, lvl));
    assert(channel_consistent(s, f, to, 0));
    let channel = s.lanes[to].channels[0];
    if s.emitted < s.inputs.len() && !s.source_closed && refusal(channel) is None {
        assert(t.lanes.len() == w && t.inputs == s.inputs && t.depth == s.depth);
        assert(left(t, k, lvl) == left(s, k, lvl));
        if k == to && lvl == 0 {
            let fragment = Fragment { sequence: s.emitted as u64, payload: s.inputs[s.emitted as int] };
            let place = lane_len(s.emitted, w, to as nat) as int;
            lemma_through_unfolds(f, 0, s.inputs[s.emitted as int]);
            assert(fragment == fragment_at(s.inputs, f, w, to, place, 0));
            assert(reached(s.inputs, f, w, to, place, 0));
            assert(t.lanes[k].channels[0].queued == channel.queued.push(fragment));
            lemma_back_of_queue(s.inputs, f, w, to, 0, channel.queued, left(s, to, 0), fragment);
        } else {
            assert(t.lanes[k].channels[lvl] == s.lanes[k].channels[lvl]);
            assert(entered(t, k, lvl) == entered(s, k, lvl));
        }
    }
}

/// A step of the source keeps the state consistent.
#[verifier::spinoff_prover]
proof fn lemma_emit_keeps_consistent<T, F: Fn(usize, T) -> Option<T>>(s: PipelineModel<T>, f: F)
    requires
        consistent(s, f),
    ensures
        consistent(after_emit(s), f),
{
    let t = after_emit(s);
    let w = s.lanes.len();
    let to = (s.emitted % w) as int;
    lemma_next_fragment_joins_one_lane(s.emitted, w, 0);
    assert(lane_consistent(s, f, to));
    assert(channel_consistent(s, f, to, 0));
    let channel = s.lanes[to].channels[0];
    if s.emitted < s.inputs.len() && !s.source_closed && refusal(channel) is None {
        assert(t.lanes.len() == w && t.inputs == s.inputs && t.depth == s.depth);
        assert forall|k: int| 0 <= k < w implies #[trigger] lane_consistent(t, f, k) by {
            assert(lane_consistent(s, f, k));
            assert forall|lvl: int| 0 <= lvl <= t.depth implies #[trigger] channel_consistent(
                t,
                f,
                k,
                lvl,
            ) by {
                lemma_emit_keeps_channel(s, f, k, lvl);
            }
            assert forall|lvl: int| 0 <= lvl < t.depth implies #[trigger] worker_consistent(
                t,
                f,
                k,
                lvl,
            ) by {
                assert(worker_consistent(s, f, k, lvl));
                assert(channel_consistent(s, f, k, lvl));
                assert(t.lanes[k].workers[lvl] == s.lanes[k].workers[lvl]);
            }
        }
        assert forall|k: int| 0 <= k < w && !is_live(s.live, k) implies (#[trigger] t.lanes[k]).channels[s.depth as int].closed
            && t.lanes[k].channels[s.depth as int].queued.len() == 0 by {
            assert(lane_consistent(s, f, k));
            assert(s.lanes[k].channels[s.depth as int].closed);
        }
        lemma_sink_is_kept(s, t, f);
    }
}

/// The closing of the source's outputs keeps the state consistent.
#[verifier::spinoff_prover]
proof fn lemma_close_source_keeps_consistent<T, F: Fn(usize, T) -> Option<T>>(
    s: PipelineModel<T>,
    f: F,
)
    requires
        consistent(s, f),
    ensures
        consistent(after_close_source(s), f),
{
    let t = after_close_source(s);
    let w = s.lanes.len();
    if s.emitted == s.inputs.len() && !s.source_closed {
        assert(t.lanes.len() == w && t.inputs == s.inputs && t.depth == s.depth);
        assert forall|k: int| 0 <= k < w implies #[trigger] lane_consistent(t, f, k) by {
            assert(lane_consistent(s, f, k));
            assert forall|lvl: int| 0 <= lvl <= t.depth implies #[trigger] channel_consistent(
                t,
                f,
                k,
                lvl,
            ) by {
                assert(channel_consistent(s, f, k, lvl));
                assert(t.lanes[k].channels[lvl].queued == s.lanes[k].channels[lvl].queued);
                assert(left(t, k, lvl) == left(s, k, lvl));
                assert(entered(t, k, lvl) == entered(s, k, lvl));
            }
            assert forall|lvl: int| 0 <= lvl < t.depth implies #[trigger] worker_consistent(
                t,
                f,
                k,
                lvl,
            ) by {
                assert(worker_consistent(s, f, k, lvl));
                assert(t.lanes[k].workers[lvl] == s.lanes[k].workers[lvl]);
            }
        }
        assert forall|k: int| 0 <= k < w && !is_live(s.live, k) implies (#[trigger] t.lanes[k]).channels[s.depth as int].closed
            && t.lanes[k].channels[s.depth as int].queued.len() == 0 by {
            assert(lane_consistent(s, f, k));
            assert(s.lanes[k].channels[s.depth as int].closed);
        }
        lemma_sink_is_kept(s, t, f);
    }
}

/// What the transform gives for a fragment that has reached a level is
/// what the fragment is at the next level.
proof fn lemma_held_fragment<T, F: Fn(usize, T) -> Option<T>>(
    s: PipelineModel<T>,
    f: F,
    lane: int,
    place: int,
    level: int,
)
    requires
        0 <= lane < s.lanes.len(),
        0 <= level,
        0 <= place,
        reached(s.inputs, f, s.lanes.len(), lane, place, level),
    ensures
        outcome(
            f,
            level as usize,
            fragment_at(s.inputs, f, s.lanes.len(), lane, place, level).payload,
        ) == through(
            f,
            (level + 1) as nat,
            s.inputs[index_at(s.lanes.len(), lane as nat, place as nat) as int],
        ),
{
    let index = index_at(s.lanes.len(), lane as nat, place as nat) as int;
    lemma_through_unfolds(f, level as nat, s.inputs[index]);
}

/// Where the transform never fails, no step fails.
pub proof fn lemma_no_step_fails<T, F: Fn(usize, T) -> Option<T>>(s: PipelineModel<T>, f: F, step: Step)
    requires
        consistent(s, f),
        never_fails(f, s.depth, s.inputs),
    ensures
        !step_fails(s, f, step),
{
    match step {
        Step::Work { lane, level } => {
            if lane < s.lanes.len() && level < s.depth {
                let k = lane as int;
                let j = level as int;
                assert(lane_consistent(s, f, k));
                assert(worker_consistent(s, f, k, j));
                let worker = s.lanes[k].workers[j];
                if worker.phase is Processing {
                    let index = index_at(s.lanes.len(), k as nat, (worker.handled - 1) as nat) as int;
                    lemma_held_fragment(s, f, k, worker.handled - 1, j);
                    lemma_reaches_every_level(f, s.depth, s.inputs, index, (j + 1) as nat);
                }
            }
        },
        _ => {},
    }
}

/// What has entered a channel is no more than what was sent to the lane.
proof fn lemma_entered_is_bounded<T, F: Fn(usize, T) -> Option<T>>(
    s: PipelineModel<T>,
    f: F,
    lane: int,
    level: int,
)
    requires
        consistent(s, f),
        0 <= lane < s.lanes.len(),
        0 <= level <= s.depth,
    ensures
        0 <= left(s, lane, level) <= entered(s, lane, level) <= lane_len(
            s.emitted,
            s.lanes.len(),
            lane as nat,
        ) <= usize::MAX,
    decreases level,
{
    assert(lane_consistent(s, f, lane));
    assert(channel_consistent(s, f, lane, level));
    lemma_next_fragment_joins_one_lane(s.emitted, s.lanes.len(), lane as nat);
    if level > 0 {
        lemma_entered_is_bounded(s, f, lane, level - 1);
        assert(channel_consistent(s, f, lane, level - 1));
    }
}

/// After a step of a worker, every channel of its lane is consistent.
#[verifier::spinoff_prover]
proof fn lemma_work_keeps_channel<T, F: Fn(usize, T) -> Option<T>>(
    s: PipelineModel<T>,
    f: F,
    k0: int,
    j0: int,
    lvl: int,
)
    requires
        consistent(s, f),
        0 <= k0 < s.lanes.len(),
        0 <= j0 < s.depth,
        0 <= lvl <= s.depth,
        !step_fails(s, f, Step::Work { lane: k0 as usize, level: j0 as usize }),
    ensures
        channel_consistent(after_work(s, f, k0 as nat, j0 as nat), f, k0, lvl),
{
    let t = after_work(s, f, k0 as nat, j0 as nat);
    let w = s.lanes.len();
    assert(t.lanes.len() == w && t.inputs == s.inputs && t.depth == s.depth);
    assert(lane_consistent(s, f, k0));
    assert(channel_consistent(s, f, k0, lvl));
    assert(channel_consistent(s, f, k0, j0));
    assert(channel_consistent(s, f, k0, j0 + 1));
    assert(worker_consistent(s, f, k0, j0));
    lemma_entered_is_bounded(s, f, k0, j0);
    let worker = s.lanes[k0].workers[j0];
    let input = s.lanes[k0].channels[j0];
    let output = s.lanes[k0].channels[j0 + 1];
    let was = s.lanes[k0].channels[lvl];
    let now = t.lanes[k0].channels[lvl];
    if worker.phase is Processing {
        lemma_held_fragment(s, f, k0, worker.handled - 1, j0);
    }
    let takes = lvl == j0 && worker.phase is Waiting && input.queued.len() > 0;
    let gives = lvl == j0 + 1 && worker.phase is Emitting && refusal(output) is None;
    if takes {
        assert(now.queued == input.queued.drop_first());
        assert(left(t, k0, lvl) == left(s, k0, lvl) + 1);
        lemma_front_of_queue(s.inputs, f, w, k0, lvl, input.queued, left(s, k0, lvl));
    } else {
        assert(left(t, k0, lvl) == left(s, k0, lvl));
    }
    if gives {
        let fragment = worker.phase->Emitting_0;
        assert(now.queued == output.queued.push(fragment));
        assert(entered(t, k0, lvl) == entered(s, k0, lvl) + 1);
        lemma_back_of_queue(s.inputs, f, w, k0, lvl, output.queued, left(s, k0, lvl), fragment);
    } else {
        assert(entered(t, k0, lvl) == entered(s, k0, lvl));
    }
    if !takes && !gives {
        assert(now.queued == was.queued);
    }
    assert(now.closed == upstream_done(t, k0, lvl));
}

/// After a step of a worker, every worker of its lane is consistent.
#[verifier::spinoff_prover]
proof fn lemma_work_keeps_worker<T, F: Fn(usize, T) -> Option<T>>(
    s: PipelineModel<T>,
    f: F,
    k0: int,
    j0: int,
    lvl: int,
)
    requires
        consistent(s, f),
        0 <= k0 < s.lanes.len(),
        0 <= j0 < s.depth,
        0 <= lvl < s.depth,
        !step_fails(s, f, Step::Work { lane: k0 as usize, level: j0 as usize }),
    ensures
        worker_consistent(after_work(s, f, k0 as nat, j0 as nat), f, k0, lvl),
{
    let t = after_work(s, f, k0 as nat, j0 as nat);
    let w = s.lanes.len();
    assert(t.lanes.len() == w && t.inputs == s.inputs && t.depth == s.depth);
    assert(lane_consistent(s, f, k0));
    assert(worker_consistent(s, f, k0, lvl));
    assert(worker_consistent(s, f, k0, j0));
    assert(channel_consistent(s, f, k0, lvl));
    assert(channel_consistent(s, f, k0, j0));
    assert(channel_consistent(s, f, k0, j0 + 1));
    lemma_entered_is_bounded(s, f, k0, j0);
    let worker = s.lanes[k0].workers[j0];
    let input = s.lanes[k0].channels[j0];
    if worker.phase is Processing {
        lemma_held_fragment(s, f, k0, worker.handled - 1, j0);
    }
    if worker.phase is Waiting && input.queued.len() > 0 {
        lemma_front_of_queue(s.inputs, f, w, k0, j0, input.queued, left(s, k0, j0));
    }
    if lvl != j0 {
        assert(t.lanes[k0].workers[lvl] == s.lanes[k0].workers[lvl]);
    }
}

/// A step of a worker keeps the state consistent.
#[verifier::spinoff_prover]
proof fn lemma_work_keeps_consistent<T, F: Fn(usize, T) -> Option<T>>(
    s: PipelineModel<T>,
    f: F,
    lane: nat,
    level: nat,
)
    requires
        consistent(s, f),
        lane <= usize::MAX,
        level <= usize::MAX,
        !step_fails(s, f, Step::Work { lane: lane as usize, level: level as usize }),
    ensures
        consistent(after_work(s, f, lane, level), f),
{
    let t = after_work(s, f, lane, level);
    let w = s.lanes.len();
    if lane < w && level < s.depth {
        let k0 = lane as int;
        let j0 = level as int;
        assert(t.lanes.len() == w && t.inputs == s.inputs && t.depth == s.depth);
        assert(lane_consistent(s, f, k0));
        assert forall|k: int| 0 <= k < w implies #[trigger] lane_consistent(t, f, k) by {
            assert(lane_consistent(s, f, k));
            if k == k0 {
                assert forall|lvl: int| 0 <= lvl <= t.depth implies #[trigger] channel_consistent(
                    t,
                    f,
                    k,
                    lvl,
                ) by {
                    lemma_work_keeps_channel(s, f, k0, j0, lvl);
                }
                assert forall|lvl: int| 0 <= lvl < t.depth implies #[trigger] worker_consistent(
                    t,
                    f,
                    k,
                    lvl,
                ) by {
                    lemma_work_keeps_worker(s, f, k0, j0, lvl);
                }
            } else {
                assert(t.lanes[k] == s.lanes[k]);
                assert forall|lvl: int| 0 <= lvl <= t.depth implies #[trigger] channel_consistent(
                    t,
                    f,
                    k,
                    lvl,
                ) by {
                    assert(channel_consistent(s, f, k, lvl));
                    assert(left(t, k, lvl) == left(s, k, lvl));
                    assert(entered(t, k, lvl) == entered(s, k, lvl));
                }
                assert forall|lvl: int| 0 <= lvl < t.depth implies #[trigger] worker_consistent(
                    t,
                    f,
                    k,
                    lvl,
                ) by {
                    assert(worker_consistent(s, f, k, lvl));
                }
            }
        }
        assert forall|k: int| 0 <= k < w && !is_live(s.live, k) implies (#[trigger] t.lanes[k]).channels[s.depth as int].closed
            && t.lanes[k].channels[s.depth as int].queued.len() == 0 by {
            assert(lane_consistent(s, f, k));
            assert(s.lanes[k].channels[s.depth as int].closed);
            assert(channel_consistent(s, f, k, s.depth as int));
            if k == k0 {
                assert(channel_consistent(s, f, k0, j0 + 1));
                assert(worker_consistent(s, f, k0, j0));
            }
        }
        lemma_sink_is_kept(s, t, f);
    }
}

/// After a fragment has gone to the sink, every channel is consistent.
#[verifier::spinoff_prover]
proof fn lemma_poll_keeps_channel<T, F: Fn(usize, T) -> Option<T>>(
    s: PipelineModel<T>,
    f: F,
    k: int,
    lvl: int,
)
    requires
        consistent(s, f),
        s.live.len() > 0,
        0 <= k < s.lanes.len(),
        0 <= lvl <= s.depth,
    ensures
        channel_consistent(after_poll(s), f, k, lvl),
{
    let t = after_poll(s);
    let w = s.lanes.len();
    let d = s.depth as int;
    let slot = s.live[s.position as int].slot as int;
    assert(t.lanes.len() == w && t.inputs == s.inputs && t.depth == s.depth);
    assert(lane_consistent(s, f, k));
    assert(lane_consistent(s, f, slot));
    assert(channel_consistent(s, f, k, lvl));
    assert(channel_consistent(s, f, slot, d));
    let channel = s.lanes[slot].channels[d];
    assert(entered(t, k, lvl) == entered(s, k, lvl));
    if channel.queued.len() > 0 && k == slot && lvl == d {
        assert(t.lanes[k].channels[lvl].queued == channel.queued.drop_first());
        assert(left(t, k, lvl) == left(s, k, lvl) + 1);
        lemma_front_of_queue(s.inputs, f, w, slot, d, channel.queued, left(s, slot, d));
    } else {
        assert(t.lanes[k].channels[lvl] == s.lanes[k].channels[lvl]);
        assert(left(t, k, lvl) == left(s, k, lvl));
    }
}

/// A turn of the sink keeps the state consistent.
#[verifier::spinoff_prover]
proof fn lemma_poll_keeps_consistent<T, F: Fn(usize, T) -> Option<T>>(s: PipelineModel<T>, f: F)
    requires
        consistent(s, f),
    ensures
        consistent(after_poll(s), f),
{
    let t = after_poll(s);
    let w = s.lanes.len();
    let d = s.depth as int;
    assert(t.lanes.len() == w && t.inputs == s.inputs && t.depth == s.depth);
    if s.live.len() > 0 {
        let at = s.position as int;
        let slot = s.live[at].slot as int;
        assert(lane_consistent(s, f, slot));
        assert(channel_consistent(s, f, slot, d));
        let channel = s.lanes[slot].channels[d];
        assert forall|k: int| 0 <= k < w implies #[trigger] lane_consistent(t, f, k) by {
            assert(lane_consistent(s, f, k));
            assert forall|lvl: int| 0 <= lvl <= t.depth implies #[trigger] channel_consistent(
                t,
                f,
                k,
                lvl,
            ) by {
                lemma_poll_keeps_channel(s, f, k, lvl);
            }
            assert forall|lvl: int| 0 <= lvl < t.depth implies #[trigger] worker_consistent(
                t,
                f,
                k,
                lvl,
            ) by {
                assert(worker_consistent(s, f, k, lvl));
                assert(channel_consistent(s, f, k, lvl));
                assert(t.lanes[k].workers[lvl] == s.lanes[k].workers[lvl]);
                assert(t.lanes[k].channels[lvl] == s.lanes[k].channels[lvl]);
            }
        }
        if channel.queued.len() > 0 {
            let arrival = channel.queued[0];
            lemma_front_of_queue(s.inputs, f, w, slot, d, channel.queued, left(s, slot, d));
            assert(sink_consistent(t, f)) by {
                assert forall|k: int| 0 <= k < w && !is_live(t.live, k) implies (#[trigger] t.lanes[k]).channels[t.depth as int].closed
                    && t.lanes[k].channels[t.depth as int].queued.len() == 0 by {
                    assert(lane_consistent(s, f, k));
                    assert(!is_live(s.live, k));
                    assert(s.lanes[k].channels[s.depth as int].closed);
                    assert(is_live(s.live, slot));
                }
                let before = taken_runs(s, f);
                assert(arrival == fragment_at(s.inputs, f, w, slot, s.lanes[slot].taken as int, d));
                assert(taken_runs(t, f) =~~= before.update(slot, before[slot].push(arrival)));
                lemma_flatten_grows(before, slot, arrival);
                to_multiset_build(s.collected, arrival);
                assert forall|k: int, p: int| 0 <= k < w && 0 <= p < t.lanes[k].taken implies #[trigger] reached(
                    t.inputs,
                    f,
                    w,
                    k,
                    p,
                    t.depth as int,
                ) by {
                    if k == slot && p == s.lanes[slot].taken {
                        assert(reached(s.inputs, f, w, slot, left(s, slot, d), d));
                    } else {
                        assert(reached(s.inputs, f, w, k, p, s.depth as int));
                    }
                }
            }
        } else if channel.closed {
            assert(sink_consistent(t, f)) by {
                assert forall|a: int| 0 <= a < t.live.len() implies (#[trigger] t.live[a]).slot
                    < t.lanes.len() by {
                    if a < at {
                        assert(t.live[a] == s.live[a]);
                    } else {
                        assert(t.live[a] == s.live[a + 1]);
                    }
                }
                assert forall|a: int, b: int| 0 <= a < b < t.live.len() implies (#[trigger] t.live[a]).slot
                    < (#[trigger] t.live[b]).slot by {
                    let before_a = if a < at {
                        a
                    } else {
                        a + 1
                    };
                    let before_b = if b < at {
                        b
                    } else {
                        b + 1
                    };
                    assert(t.live[a] == s.live[before_a]);
                    assert(t.live[b] == s.live[before_b]);
                }
                assert forall|k: int| 0 <= k < w && !is_live(t.live, k) implies (#[trigger] t.lanes[k]).channels[t.depth as int].closed
                    && t.lanes[k].channels[t.depth as int].queued.len() == 0 by {
                    if k != slot {
                        if is_live(s.live, k) {
                            let a = choose|a: int| 0 <= a < s.live.len() && (#[trigger] s.live[a]).slot == k;
                            if a < at {
                                assert(t.live[a].slot == k);
                            } else {
                                assert(a != at);
                                assert(t.live[a - 1].slot == k);
                            }
                        }
                        assert(!is_live(s.live, k));
                        assert(s.lanes[k].channels[s.depth as int].closed);
                    }
                }
                assert(taken_runs(t, f) =~~= taken_runs(s, f));
                assert forall|k: int, p: int| 0 <= k < w && 0 <= p < t.lanes[k].taken implies #[trigger] reached(
                    t.inputs,
                    f,
                    w,
                    k,
                    p,
                    t.depth as int,
                ) by {
                    assert(reached(s.inputs, f, w, k, p, s.depth as int));
                }
            }
        } else {
            assert(sink_consistent(t, f));
        }
    }
}

/// Every step keeps a consistent state consistent.
pub proof fn lemma_step_keeps_consistent<T, F: Fn(usize, T) -> Option<T>>(
    s: PipelineModel<T>,
    f: F,
    step: Step,
)
    requires
        consistent(s, f),
        !step_fails(s, f, step),
    ensures
        consistent(after_step(s, f, step), f),
        after_step(s, f, step).inputs == s.inputs,
        after_step(s, f, step).depth == s.depth,
        after_step(s, f, step).lanes.len() == s.lanes.len(),
{
    match step {
        Step::Emit => lemma_emit_keeps_consistent(s, f),
        Step::CloseSource => lemma_close_source_keeps_consistent(s, f),
        Step::Work { lane, level } => lemma_work_keeps_consistent(s, f, lane as nat, level as nat),
        Step::Poll => lemma_poll_keeps_consistent(s, f),
    }
}

/// Whatever the schedule, the state that it leads to is consistent.
pub proof fn lemma_schedule_keeps_consistent<T, F: Fn(usize, T) -> Option<T>>(
    s: PipelineModel<T>,
    f: F,
    schedule: Seq<Step>,
)
    requires
        consistent(s, f),
        !schedule_fails(s, f, schedule),
    ensures
        consistent(after_schedule(s, f, schedule), f),
        after_schedule(s, f, schedule).inputs == s.inputs,
        after_schedule(s, f, schedule).depth == s.depth,
        after_schedule(s, f, schedule).lanes.len() == s.lanes.len(),
    decreases schedule.len(),
{
    if schedule.len() > 0 {
        lemma_schedule_keeps_consistent(s, f, schedule.drop_last());
        lemma_step_keeps_consistent(
            after_schedule(s, f, schedule.drop_last()),
            f,
            schedule.last(),
        );
    }
}

/// Closure travels down the lane: a channel that is closed and empty has
/// seen every fragment of its lane, the source is done, and every worker
/// before the channel is terminated.
proof fn lemma_closed_channel_has_seen_all<T, F: Fn(usize, T) -> Option<T>>(
    s: PipelineModel<T>,
    f: F,
    lane: int,
    level: int,
)
    requires
        consistent(s, f),
        0 <= lane < s.lanes.len(),
        0 <= level <= s.depth,
        s.lanes[lane].channels[level].closed,
        s.lanes[lane].channels[level].queued.len() == 0,
    ensures
        s.source_closed,
        s.emitted == s.inputs.len(),
        left(s, lane, level) == lane_len(s.inputs.len(), s.lanes.len(), lane as nat),
        forall|j: int| 0 <= j < level ==> (#[trigger] s.lanes[lane].workers[j]).phase is Terminated,
        forall|j: int|
            0 <= j <= level ==> (#[trigger] s.lanes[lane].channels[j]).closed
                && s.lanes[lane].channels[j].queued.len() == 0,
    decreases level,
{
    assert(lane_consistent(s, f, lane));
    assert(channel_consistent(s, f, lane, level));
    if level > 0 {
        assert(worker_consistent(s, f, lane, level - 1));
        lemma_closed_channel_has_seen_all(s, f, lane, level - 1);
    }
}

/// A run is finished when the sink has seen every producer close.
pub open spec fn finished<T>(s: PipelineModel<T>) -> bool {
    s.live.len() == 0
}

/// No loss, no duplicate, and the order restored, for every schedule. In a
/// consistent state whose sink has seen every producer close, the source has
/// sent every input and closed its outputs, every worker is terminated, every
/// channel is closed and empty, each worker of lane `k` has received the
/// fragments `k`, `k + W`, `k + 2W`, ... and no others, and what the sink
/// has collected, put in sequence order, is the emission: fragment `i`
/// carries the sequence number `i` and input `i` after all levels.
#[verifier::spinoff_prover]
pub proof fn lemma_finished_run_is_complete<T, F: Fn(usize, T) -> Option<T>>(
    s: PipelineModel<T>,
    f: F,
    output: Seq<Fragment<T>>,
)
    requires
        consistent(s, f),
        finished(s),
        is_reassembly(output, s.collected),
    ensures
        never_fails(f, s.depth, s.inputs),
        s.source_closed,
        s.emitted == s.inputs.len(),
        forall|k: int, j: int|
            0 <= k < s.lanes.len() && 0 <= j < s.depth ==> (#[trigger] s.lanes[k].workers[j]).phase is Terminated
                && s.lanes[k].workers[j].handled == lane_len(
                s.inputs.len(),
                s.lanes.len(),
                k as nat,
            ),
        forall|k: int, j: int|
            0 <= k < s.lanes.len() && 0 <= j <= s.depth ==> (#[trigger] s.lanes[k].channels[j]).closed
                && s.lanes[k].channels[j].queued.len() == 0,
        output == stamped(transformed(f, s.depth, s.inputs)),
{
    let w = s.lanes.len();
    let d = s.depth as int;
    let goal = stamped(transformed(f, s.depth, s.inputs));
    assert forall|k: int| 0 <= k < w implies (#[trigger] s.lanes[k]).channels[d].closed
        && s.lanes[k].channels[d].queued.len() == 0 by {
        assert(!is_live(s.live, k));
    }
    assert(s.lanes[0].channels[d].closed);
    lemma_closed_channel_has_seen_all(s, f, 0, d);
    assert forall|k: int, j: int| 0 <= k < w && 0 <= j < s.depth implies (#[trigger] s.lanes[k].workers[j]).phase is Terminated
        && s.lanes[k].workers[j].handled == lane_len(s.inputs.len(), w, k as nat) by {
        assert(s.lanes[k].channels[d].closed);
        lemma_closed_channel_has_seen_all(s, f, k, d);
        assert(lane_consistent(s, f, k));
        assert(channel_consistent(s, f, k, j));
        assert(s.lanes[k].channels[j].closed);
        lemma_closed_channel_has_seen_all(s, f, k, j);
    }
    assert forall|k: int, j: int| 0 <= k < w && 0 <= j <= s.depth implies (#[trigger] s.lanes[k].channels[j]).closed
        && s.lanes[k].channels[j].queued.len() == 0 by {
        assert(s.lanes[k].channels[d].closed);
        lemma_closed_channel_has_seen_all(s, f, k, d);
    }
    assert forall|i: int| 0 <= i < s.inputs.len() implies through(
        f,
        s.depth,
        #[trigger] s.inputs[i],
    ) is Some by {
        let k = (i as nat % w) as int;
        let p = (i as nat / w) as int;
        lemma_fragment_has_one_lane(stamped(s.inputs), w, i as nat);
        lemma_next_place(i as nat, w);
        assert(s.lanes[k].channels[d].closed);
        lemma_closed_channel_has_seen_all(s, f, k, d);
        assert(reached(s.inputs, f, w, k, p, d));
    }
    // What the sink has taken from the lanes is what the lanes of the emission hold.
    assert(taken_runs(s, f) =~~= lanes_of(goal, w)) by {
        assert forall|k: int| 0 <= k < w implies #[trigger] taken_runs(s, f)[k] =~= lanes_of(
            goal,
            w,
        )[k] by {
            assert(s.lanes[k].channels[d].closed);
            lemma_closed_channel_has_seen_all(s, f, k, d);
            lemma_round_robin_is_fair(s.inputs.len(), w, k as nat);
            assert forall|p: int| 0 <= p < taken_runs(s, f)[k].len() implies taken_runs(s, f)[k][p]
                == lane_of(goal, w, k as nat)[p] by {
                assert(index_at(w, k as nat, p as nat) < s.inputs.len());
            }
        }
    }
    lemma_lanes_reassemble(transformed(f, s.depth, s.inputs), w, output);
}

/// Under round robin the sink follows the source: as long as the source has
/// not closed, every producer is live, the sink has taken the fragments
/// `0 .. c` and no others, and asks lane `c mod W` next, where `c` is the
/// number of fragments collected.
pub open spec fn in_step<T>(s: PipelineModel<T>) -> bool {
    &&& s.policy == DrainPolicy::RoundRobin
    &&& !s.source_closed ==> {
        &&& s.live.len() == s.lanes.len()
        &&& forall|a: int| 0 <= a < s.live.len() ==> (#[trigger] s.live[a]).slot == a
        &&& s.position == s.collected.len() % s.lanes.len()
        &&& forall|k: int|
            0 <= k < s.lanes.len() ==> (#[trigger] s.lanes[k]).taken == lane_len(
                s.collected.len(),
                s.lanes.len(),
                k as nat,
            )
    }
}

/// The start is in step.
pub proof fn lemma_start_is_in_step<T>(
    inputs: Seq<T>,
    ids: Seq<crate::stage_id::StageId>,
    depth: nat,
    capacity: nat,
)
    requires
        0 < ids.len() <= usize::MAX,
    ensures
        in_step(
            at_start(
                inputs,
                crate::stage::all_producers(ids),
                depth,
                capacity,
                DrainPolicy::RoundRobin,
            ),
        ),
{
    let s = at_start(
        inputs,
        crate::stage::all_producers(ids),
        depth,
        capacity,
        DrainPolicy::RoundRobin,
    );
    lemma_next_fragment_joins_one_lane(0, s.lanes.len(), 0);
    assert forall|k: int| 0 <= k < s.lanes.len() implies (#[trigger] s.lanes[k]).taken == lane_len(
        s.collected.len(),
        s.lanes.len(),
        k as nat,
    ) by {
        lemma_next_fragment_joins_one_lane(0, s.lanes.len(), k as nat);
    }
}

/// Every step keeps the sink in step with the source.
#[verifier::spinoff_prover]
pub proof fn lemma_step_keeps_in_step<T, F: Fn(usize, T) -> Option<T>>(
    s: PipelineModel<T>,
    f: F,
    step: Step,
)
    requires
        consistent(s, f),
        in_step(s),
    ensures
        in_step(after_step(s, f, step)),
{
    let t = after_step(s, f, step);
    let w = s.lanes.len();
    let d = s.depth as int;
    match step {
        Step::Emit => {
            if !t.source_closed {
                assert forall|k: int| 0 <= k < w implies (#[trigger] t.lanes[k]).taken == lane_len(
                    t.collected.len(),
                    w,
                    k as nat,
                ) by {
                    assert(s.lanes[k].taken == lane_len(s.collected.len(), w, k as nat));
                }
            }
        },
        Step::CloseSource => {
            if !t.source_closed {
                assert(t == s);
            }
        },
        Step::Work { lane, level } => {
            if !t.source_closed {
                assert forall|k: int| 0 <= k < w implies (#[trigger] t.lanes[k]).taken == lane_len(
                    t.collected.len(),
                    w,
                    k as nat,
                ) by {
                    assert(s.lanes[k].taken == lane_len(s.collected.len(), w, k as nat));
                    assert(lane_consistent(s, f, k));
                }
            }
        },
        Step::Poll => {
            if !s.source_closed && s.live.len() > 0 {
                let slot = s.live[s.position as int].slot as int;
                let channel = s.lanes[slot].channels[d];
                let c = s.collected.len();
                assert(lane_consistent(s, f, slot));
                lemma_next_fragment_joins_one_lane(c, w, 0);
                if channel.queued.len() > 0 {
                    assert forall|k: int| 0 <= k < w implies (#[trigger] t.lanes[k]).taken
                        == lane_len(t.collected.len(), w, k as nat) by {
                        assert(s.lanes[k].taken == lane_len(c, w, k as nat));
                        lemma_next_fragment_joins_one_lane(c, w, k as nat);
                    }
                } else if channel.closed {
                    lemma_closed_channel_has_seen_all(s, f, slot, d);
                }
            }
        },
    }
}

/// Whether `step` changes anything: whether its stage is not held up.
pub open spec fn can_move<T>(s: PipelineModel<T>, step: Step) -> bool {
    match step {
        Step::Emit => s.emitted < s.inputs.len() && !s.source_closed && refusal(
            s.lanes[(s.emitted % s.lanes.len()) as int].channels[0],
        ) is None,
        Step::CloseSource => s.emitted == s.inputs.len() && !s.source_closed,
        Step::Work { lane, level } => lane < s.lanes.len() && level < s.depth && {
            let worker = s.lanes[lane as int].workers[level as int];
            let input = s.lanes[lane as int].channels[level as int];
            let output = s.lanes[lane as int].channels[level as int + 1];
            match worker.phase {
                Phase::Waiting => input.queued.len() > 0 || input.closed,
                Phase::Emitting(_) => refusal(output) != Some(crate::channel::SendError::Full),
                Phase::Terminated => false,
                _ => true,
            }
        },
        Step::Poll => s.live.len() > 0 && {
            let channel = s.lanes[s.live[s.position as int].slot as int].channels[s.depth as int];
            channel.queued.len() > 0 || channel.closed
        },
    }
}

/// Lane `lane` is at rest up to channel `level`: its channels are empty and
/// open, and its workers wait.
pub open spec fn at_rest<T>(s: PipelineModel<T>, lane: int, level: int) -> bool {
    &&& forall|j: int|
        0 <= j <= level ==> (#[trigger] s.lanes[lane].channels[j]).queued.len() == 0
            && !s.lanes[lane].channels[j].closed
    &&& forall|j: int| 0 <= j < level ==> (#[trigger] s.lanes[lane].workers[j]).phase is Waiting
}

/// Below an empty open channel either a worker can move, or the lane is at rest.
#[verifier::spinoff_prover]
proof fn lemma_lane_can_move<T, F: Fn(usize, T) -> Option<T>>(
    s: PipelineModel<T>,
    f: F,
    lane: int,
    level: int,
) -> (mover: Option<nat>)
    requires
        consistent(s, f),
        0 <= lane < s.lanes.len(),
        0 <= level <= s.depth,
        s.lanes[lane].channels[level].queued.len() == 0,
        !s.lanes[lane].channels[level].closed,
    ensures
        match mover {
            Some(worker) => worker < level && after_work(s, f, lane as nat, worker) != s
                && can_move(s, Step::Work { lane: lane as usize, level: worker as usize }),
            None => at_rest(s, lane, level),
        },
    decreases level,
{
    assert(lane_consistent(s, f, lane));
    assert(channel_consistent(s, f, lane, level));
    if level == 0 {
        None
    } else {
        let j = level - 1;
        let worker = s.lanes[lane].workers[j];
        let input = s.lanes[lane].channels[j];
        let output = s.lanes[lane].channels[level];
        assert(worker_consistent(s, f, lane, j));
        assert(channel_consistent(s, f, lane, j));
        let t = after_work(s, f, lane as nat, j as nat);
        if worker.phase is Waiting && input.queued.len() == 0 && !input.closed {
            let mover = lemma_lane_can_move(s, f, lane, j);
            if mover is None {
                assert forall|i: int| 0 <= i <= level implies (#[trigger] s.lanes[lane].channels[i]).queued.len()
                    == 0 && !s.lanes[lane].channels[i].closed by {
                    if i < level {
                        assert(at_rest(s, lane, j));
                    }
                }
                assert forall|i: int| 0 <= i < level implies (#[trigger] s.lanes[lane].workers[i]).phase is Waiting by {
                    if i < j {
                        assert(at_rest(s, lane, j));
                    }
                }
            }
            mover
        } else {
            assert(t.lanes[lane].workers[j] != worker);
            assert(t.lanes[lane] != s.lanes[lane]);
            Some(j as nat)
        }
    }
}

/// A lane at rest holds nothing: the sink has taken all that was sent to it.
proof fn lemma_lane_at_rest_is_empty<T, F: Fn(usize, T) -> Option<T>>(
    s: PipelineModel<T>,
    f: F,
    lane: int,
    level: int,
)
    requires
        consistent(s, f),
        0 <= lane < s.lanes.len(),
        0 <= level <= s.depth,
        at_rest(s, lane, s.depth as int),
    ensures
        left(s, lane, level) == lane_len(s.emitted, s.lanes.len(), lane as nat),
    decreases level,
{
    assert(lane_consistent(s, f, lane));
    assert(channel_consistent(s, f, lane, level));
    assert(s.lanes[lane].channels[level].queued.len() == 0);
    if level > 0 {
        lemma_lane_at_rest_is_empty(s, f, lane, level - 1);
        assert(s.lanes[lane].workers[level - 1].phase is Waiting);
    }
}

/// More fragments sent never make a lane shorter.
proof fn lemma_lanes_only_grow(fewer: nat, more: nat, workers: nat, lane: nat)
    requires
        workers > 0,
        lane < workers,
        fewer <= more,
    ensures
        lane_len(fewer, workers, lane) <= lane_len(more, workers, lane),
    decreases more - fewer,
{
    if fewer < more {
        lemma_lanes_only_grow(fewer, (more - 1) as nat, workers, lane);
        lemma_next_fragment_joins_one_lane((more - 1) as nat, workers, lane);
    }
}

/// No deadlock. Under round robin, with channels that hold at least one
/// fragment, a run that is not finished can always go on: there is a stage
/// whose step changes the state. That stage is the sink, or a worker of the
/// lane that the sink waits for, or the source.
#[verifier::spinoff_prover]
pub proof fn lemma_some_stage_can_move<T, F: Fn(usize, T) -> Option<T>>(
    s: PipelineModel<T>,
    f: F,
) -> (step: Step)
    requires
        consistent(s, f),
        in_step(s),
        !finished(s),
    ensures
        can_move(s, step),
        after_step(s, f, step) != s,
{
    let w = s.lanes.len();
    let d = s.depth as int;
    let slot = s.live[s.position as int].slot as int;
    let channel = s.lanes[slot].channels[d];
    assert(lane_consistent(s, f, slot));
    assert(channel_consistent(s, f, slot, d));
    if channel.queued.len() > 0 {
        assert(after_poll(s).collected.len() == s.collected.len() + 1);
        Step::Poll
    } else if channel.closed {
        assert(after_poll(s).live.len() == s.live.len() - 1);
        Step::Poll
    } else {
        match lemma_lane_can_move(s, f, slot, d) {
            Some(worker) => Step::Work { lane: slot as usize, level: worker as usize },
            None => {
                // The lane that the sink waits for is at rest: it is the source's turn.
                assert(!s.lanes[slot].channels[0].closed);
                assert(channel_consistent(s, f, slot, 0));
                assert(!s.source_closed);
                let c = s.collected.len();
                lemma_lane_at_rest_is_empty(s, f, slot, d);
                lemma_next_place(c, w);
                lemma_next_place(s.emitted, w);
                assert(slot == c % w);
                assert(s.lanes[slot].taken == lane_len(c, w, slot as nat));
                // The sink is not ahead of the source.
                if c > s.emitted {
                    let next = (s.emitted % w) as int;
                    lemma_entered_is_bounded(s, f, next, d);
                    assert(s.lanes[next].taken == lane_len(c, w, next as nat));
                    lemma_next_fragment_joins_one_lane(s.emitted, w, next as nat);
                    lemma_lanes_only_grow(s.emitted + 1, c, w, next as nat);
                }
                // Nor behind it: what was sent to the lane has been taken.
                if c < s.emitted {
                    lemma_next_fragment_joins_one_lane(c, w, slot as nat);
                    lemma_lanes_only_grow(c + 1, s.emitted, w, slot as nat);
                }
                assert(c == s.emitted);
                if s.emitted < s.inputs.len() {
                    assert(refusal(s.lanes[slot].channels[0]) is None);
                    assert(after_emit(s).emitted == s.emitted + 1);
                    Step::Emit
                } else {
                    assert(after_close_source(s).source_closed);
                    Step::CloseSource
                }
            },
        }
    }
}

/// The sum of the values.
pub open spec fn total(values: Seq<int>) -> int
    decreases values.len(),
{
    if values.len() == 0 {
        0
    } else {
        total(values.drop_last()) + values.last()
    }
}

proof fn lemma_total_update(values: Seq<int>, at: int, value: int)
    requires
        0 <= at < values.len(),
    ensures
        total(values.update(at, value)) == total(values) - values[at] + value,
    decreases values.len(),
{
    let changed = values.update(at, value);
    if at == values.len() - 1 {
        assert(changed.drop_last() =~= values.drop_last());
    } else {
        assert(changed.drop_last() =~= values.drop_last().update(at, value));
        lemma_total_update(values.drop_last(), at, value);
    }
}

proof fn lemma_total_is_not_negative(values: Seq<int>)
    requires
        forall|i: int| 0 <= i < values.len() ==> #[trigger] values[i] >= 0,
    ensures
        total(values) >= 0,
    decreases values.len(),
{
    if values.len() > 0 {
        lemma_total_is_not_negative(values.drop_last());
    }
}

/// The steps that a worker with `below` levels from it to the sink, its own
/// counted, still has to do on the fragment it holds and on its way out.
pub open spec fn worker_steps<T>(worker: WorkerView<T>, below: int) -> int {
    match worker.phase {
        Phase::Waiting => 2,
        Phase::Processing(_) => 3 * below + 2,
        Phase::Emitting(_) => 3 * below + 1,
        Phase::Closing => 1,
        Phase::Terminated => 0,
    }
}

/// The steps that the stages still have to do on the fragments that wait in
/// a channel with `below` levels from it to the sink.
pub open spec fn channel_steps<T>(channel: ChannelState<T>, below: int) -> int {
    channel.queued.len() * (3 * below + 1)
}

pub open spec fn worker_values<T>(lane: LaneModel<T>, depth: nat) -> Seq<int> {
    Seq::new(depth, |j: int| worker_steps(lane.workers[j], depth - j))
}

pub open spec fn channel_values<T>(lane: LaneModel<T>, depth: nat) -> Seq<int> {
    Seq::new(depth + 1, |j: int| channel_steps(lane.channels[j], depth - j))
}

/// The steps that are left to do in a lane.
pub open spec fn lane_steps<T>(lane: LaneModel<T>, depth: nat) -> int {
    total(worker_values(lane, depth)) + total(channel_values(lane, depth))
}

pub open spec fn lane_values<T>(s: PipelineModel<T>) -> Seq<int> {
    Seq::new(s.lanes.len(), |k: int| lane_steps(s.lanes[k], s.depth))
}

/// The number of steps that are left to do before the run is finished: for
/// every fragment the steps that take it to the sink, for every stage the
/// steps of its way out.
pub open spec fn remaining<T>(s: PipelineModel<T>) -> int {
    (s.inputs.len() - s.emitted) * (3 * s.depth + 2) + total(lane_values(s)) + (if s.source_closed {
        0int
    } else {
        1int
    }) + s.live.len()
}

/// The number of steps that are left is never negative.
pub proof fn lemma_remaining_is_not_negative<T, F: Fn(usize, T) -> Option<T>>(s: PipelineModel<T>, f: F)
    requires
        consistent(s, f),
    ensures
        remaining(s) >= 0,
{
    assert forall|k: int| 0 <= k < s.lanes.len() implies #[trigger] lane_values(s)[k] >= 0 by {
        let lane = s.lanes[k];
        assert(lane_consistent(s, f, k));
        assert forall|j: int| 0 <= j < s.depth implies #[trigger] worker_values(lane, s.depth)[j]
            >= 0 by {}
        assert forall|j: int| 0 <= j <= s.depth implies #[trigger] channel_values(lane, s.depth)[j]
            >= 0 by {
            assert(lane.channels[j].queued.len() * (3 * (s.depth - j) + 1) >= 0) by (nonlinear_arith)
                requires
                    lane.channels[j].queued.len() >= 0,
                    s.depth - j >= 0,
            ;
        }
        lemma_total_is_not_negative(worker_values(lane, s.depth));
        lemma_total_is_not_negative(channel_values(lane, s.depth));
    }
    lemma_total_is_not_negative(lane_values(s));
    assert((s.inputs.len() - s.emitted) * (3 * s.depth + 2) >= 0) by (nonlinear_arith)
        requires
            s.inputs.len() - s.emitted >= 0,
            s.depth >= 0,
    ;
}

/// What a change of one lane does to the steps that are left.
proof fn lemma_one_lane_changes<T>(s: PipelineModel<T>, t: PipelineModel<T>, lane: int)
    requires
        0 <= lane < s.lanes.len(),
        t.depth == s.depth,
        t.lanes == s.lanes.update(lane, t.lanes[lane]),
    ensures
        total(lane_values(t)) == total(lane_values(s)) - lane_steps(s.lanes[lane], s.depth)
            + lane_steps(t.lanes[lane], s.depth),
{
    assert(lane_values(t) =~= lane_values(s).update(lane, lane_steps(t.lanes[lane], s.depth)));
    lemma_total_update(lane_values(s), lane, lane_steps(t.lanes[lane], s.depth));
}

/// What a change of one worker does to the steps that are left in its lane.
proof fn lemma_one_worker_changes<T>(old_lane: LaneModel<T>, new_lane: LaneModel<T>, depth: nat, level: int)
    requires
        0 <= level < depth,
        old_lane.workers.len() == depth,
        new_lane.workers == old_lane.workers.update(level, new_lane.workers[level]),
    ensures
        total(worker_values(new_lane, depth)) == total(worker_values(old_lane, depth))
            - worker_steps(old_lane.workers[level], depth - level) + worker_steps(
            new_lane.workers[level],
            depth - level,
        ),
{
    assert(worker_values(new_lane, depth) =~= worker_values(old_lane, depth).update(
        level,
        worker_steps(new_lane.workers[level], depth - level),
    ));
    lemma_total_update(
        worker_values(old_lane, depth),
        level,
        worker_steps(new_lane.workers[level], depth - level),
    );
}

/// What a change of one channel does to the steps that are left in its lane.
proof fn lemma_one_channel_changes<T>(old_lane: LaneModel<T>, new_lane: LaneModel<T>, depth: nat, level: int)
    requires
        0 <= level <= depth,
        old_lane.channels.len() == depth + 1,
        new_lane.channels == old_lane.channels.update(level, new_lane.channels[level]),
    ensures
        total(channel_values(new_lane, depth)) == total(channel_values(old_lane, depth))
            - channel_steps(old_lane.channels[level], depth - level) + channel_steps(
            new_lane.channels[level],
            depth - level,
        ),
{
    assert(channel_values(new_lane, depth) =~= channel_values(old_lane, depth).update(
        level,
        channel_steps(new_lane.channels[level], depth - level),
    ));
    lemma_total_update(
        channel_values(old_lane, depth),
        level,
        channel_steps(new_lane.channels[level], depth - level),
    );
}

/// One fragment more or less in a channel.
proof fn lemma_channel_steps_by_length<T>(shorter: ChannelState<T>, longer: ChannelState<T>, below: int)
    requires
        longer.queued.len() == shorter.queued.len() + 1,
    ensures
        channel_steps(longer, below) == channel_steps(shorter, below) + 3 * below + 1,
{
    assert((shorter.queued.len() + 1) * (3 * below + 1) == shorter.queued.len() * (3 * below + 1)
        + (3 * below + 1)) by (nonlinear_arith);
}

/// Bounded time. A step that changes anything takes one off the number of
/// steps that are left, which is never negative: whatever the schedule, a
/// run does no more than `remaining(start)` steps that change anything.
#[verifier::spinoff_prover]
pub proof fn lemma_moving_step_descends<T, F: Fn(usize, T) -> Option<T>>(
    s: PipelineModel<T>,
    f: F,
    step: Step,
)
    requires
        consistent(s, f),
        !step_fails(s, f, step),
        can_move(s, step),
    ensures
        0 <= remaining(after_step(s, f, step)) == remaining(s) - 1,
{
    let t = after_step(s, f, step);
    let w = s.lanes.len();
    let d = s.depth;
    lemma_step_keeps_consistent(s, f, step);
    lemma_remaining_is_not_negative(t, f);
    match step {
        Step::Emit => {
            let k = (s.emitted % w) as int;
            lemma_next_fragment_joins_one_lane(s.emitted, w, 0);
            assert(lane_consistent(s, f, k));
            lemma_one_lane_changes(s, t, k);
            lemma_one_channel_changes(s.lanes[k], t.lanes[k], d, 0);
            lemma_channel_steps_by_length(s.lanes[k].channels[0], t.lanes[k].channels[0], d as int);
            assert(worker_values(t.lanes[k], d) =~= worker_values(s.lanes[k], d));
            assert((s.inputs.len() - s.emitted) * (3 * d + 2) == (s.inputs.len() - s.emitted - 1) * (3
                * d + 2) + (3 * d + 2)) by (nonlinear_arith);
        },
        Step::CloseSource => {
            assert(lane_values(t) =~= lane_values(s)) by {
                assert forall|k: int| 0 <= k < w implies lane_values(t)[k] == lane_values(s)[k] by {
                    assert(lane_consistent(s, f, k));
                    assert(worker_values(t.lanes[k], d) =~= worker_values(s.lanes[k], d));
                    assert(channel_values(t.lanes[k], d) =~= channel_values(s.lanes[k], d));
                }
            }
        },
        Step::Work { lane, level } => {
            let k = lane as int;
            let j = level as int;
            assert(lane_consistent(s, f, k));
            assert(worker_consistent(s, f, k, j));
            assert(channel_consistent(s, f, k, j));
            assert(channel_consistent(s, f, k, j + 1));
            let worker = s.lanes[k].workers[j];
            lemma_one_lane_changes(s, t, k);
            lemma_one_worker_changes(s.lanes[k], t.lanes[k], d, j);
            match worker.phase {
                Phase::Waiting => {
                    lemma_one_channel_changes(s.lanes[k], t.lanes[k], d, j);
                    if s.lanes[k].channels[j].queued.len() > 0 {
                        lemma_channel_steps_by_length(
                            t.lanes[k].channels[j],
                            s.lanes[k].channels[j],
                            d - j,
                        );
                    }
                },
                Phase::Processing(_) => {
                    assert(channel_values(t.lanes[k], d) =~= channel_values(s.lanes[k], d));
                },
                Phase::Emitting(_) => {
                    lemma_one_channel_changes(s.lanes[k], t.lanes[k], d, j + 1);
                    lemma_channel_steps_by_length(
                        s.lanes[k].channels[j + 1],
                        t.lanes[k].channels[j + 1],
                        d - j - 1,
                    );
                },
                Phase::Closing => {
                    lemma_one_channel_changes(s.lanes[k], t.lanes[k], d, j + 1);
                },
                Phase::Terminated => {},
            }
        },
        Step::Poll => {
            let slot = s.live[s.position as int].slot as int;
            assert(lane_consistent(s, f, slot));
            let channel = s.lanes[slot].channels[d as int];
            if channel.queued.len() > 0 {
                lemma_one_lane_changes(s, t, slot);
                lemma_one_channel_changes(s.lanes[slot], t.lanes[slot], d, d as int);
                lemma_channel_steps_by_length(
                    t.lanes[slot].channels[d as int],
                    s.lanes[slot].channels[d as int],
                    0,
                );
                assert(worker_values(t.lanes[slot], d) =~= worker_values(s.lanes[slot], d));
            }
        },
    }
}

/// A step whose stage is held up changes nothing.
pub proof fn lemma_held_step_changes_nothing<T, F: Fn(usize, T) -> Option<T>>(
    s: PipelineModel<T>,
    f: F,
    step: Step,
)
    requires
        consistent(s, f),
        !can_move(s, step),
    ensures
        after_step(s, f, step) == s,
{
    match step {
        Step::Work { lane, level } => {
            if lane < s.lanes.len() && level < s.depth {
                let k = lane as int;
                let j = level as int;
                assert(lane_consistent(s, f, k));
                let old_lane = s.lanes[k];
                let new_lane = lane_after_work(old_lane, f, j);
                assert(new_lane.workers =~= old_lane.workers);
                assert(new_lane.channels =~= old_lane.channels);
                assert(new_lane == old_lane);
                assert(s.lanes.update(k, new_lane) =~= s.lanes);
            }
        },
        _ => {},
    }
}

/// No transport error in a consistent run: a worker that has a fragment to
/// send finds its output open and its consumer alive. At worst the output is
/// full, and the worker waits.
pub proof fn lemma_no_broken_pipe<T, F: Fn(usize, T) -> Option<T>>(
    s: PipelineModel<T>,
    f: F,
    lane: int,
    level: int,
)
    requires
        consistent(s, f),
        0 <= lane < s.lanes.len(),
        0 <= level < s.depth,
        s.lanes[lane].workers[level].phase is Emitting,
    ensures
        refusal(s.lanes[lane].channels[level + 1]) is None || refusal(
            s.lanes[lane].channels[level + 1],
        ) == Some(crate::channel::SendError::Full),
{
    assert(lane_consistent(s, f, lane));
    assert(channel_consistent(s, f, lane, level + 1));
}

} // verus!
